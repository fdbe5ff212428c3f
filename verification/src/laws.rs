//! What holds of the operations on tables, whatever the table.

use vstd::prelude::*;
use crate::codec::{
    body_of, cell_in, decoded, encoded, field_of, fields_of, filled, line_of, lines, row_lines, strip_cr,
};
use crate::text::{
    free_of, join, lemma_filter_all, lemma_join_free, lemma_join_last, lemma_split_join,
    lemma_split_terminated, split, terminated,
};
use crate::model::{lemma_first_at, lemma_upto_filter, lemma_upto_filter_all, TableModel};

verus! {

/// A valid table with one more row is valid: every column is as long as
/// the table has rows.
pub proof fn lemma_with_row_wf<V>(t: TableModel<V>)
    requires
        t.wf(),
    ensures
        t.with_row().wf(),
{
    let u = t.with_row();
    assert forall|c: int| 0 <= c < u.columns.len() implies (#[trigger] u.columns[c]).len() == u.rows by {
        assert(t.columns[c].len() == t.rows);
    }
}

/// A valid table without one of its rows is valid: every column is as long
/// as the table has rows.
pub proof fn lemma_without_row_wf<V>(t: TableModel<V>, i: int)
    requires
        t.wf(),
        0 <= i < t.rows,
    ensures
        t.without_row(i).wf(),
{
    let u = t.without_row(i);
    assert forall|c: int| 0 <= c < u.columns.len() implies (#[trigger] u.columns[c]).len() == u.rows by {
        assert(t.columns[c].len() == t.rows);
    }
}

/// A valid table from which a row was removed by swapping is valid: every
/// column is as long as the table has rows.
pub proof fn lemma_without_row_swapped_wf<V>(t: TableModel<V>, i: int)
    requires
        t.wf(),
        0 <= i < t.rows,
    ensures
        t.without_row_swapped(i).wf(),
{
    let u = t.without_row_swapped(i);
    assert forall|c: int| 0 <= c < u.columns.len() implies (#[trigger] u.columns[c]).len() == u.rows by {
        assert(t.columns[c].len() == t.rows);
    }
}

/// Removing row `i` keeps the rows before it where they are and moves each
/// row behind it down by one: the rows that stay keep their order.
pub proof fn lemma_without_row_order<V>(t: TableModel<V>, i: int)
    requires
        t.wf(),
        0 <= i < t.rows,
    ensures
        t.without_row(i).rows == t.rows - 1,
        t.without_row(i).keys == t.keys,
        forall|r: int| 0 <= r < i ==> #[trigger] t.without_row(i).row(r) == t.row(r),
        forall|r: int| i <= r < t.rows - 1 ==> #[trigger] t.without_row(i).row(r) == t.row(r + 1),
{
    let u = t.without_row(i);
    assert forall|r: int| 0 <= r < i implies #[trigger] u.row(r) == t.row(r) by {
        assert forall|c: int| 0 <= c < t.columns.len() implies u.row(r)[c] == t.row(r)[c] by {
            assert(t.columns[c].len() == t.rows);
        }
    }
    assert forall|r: int| i <= r < t.rows - 1 implies #[trigger] u.row(r) == t.row(r + 1) by {
        assert forall|c: int| 0 <= c < t.columns.len() implies u.row(r)[c] == t.row(r + 1)[c] by {
            assert(t.columns[c].len() == t.rows);
        }
    }
}

/// Removing row `i` by swapping keeps every row but two where it is: row
/// `i` is replaced by the last row, and the last place is gone.
pub proof fn lemma_without_row_swapped_order<V>(t: TableModel<V>, i: int)
    requires
        t.wf(),
        0 <= i < t.rows,
    ensures
        t.without_row_swapped(i).rows == t.rows - 1,
        t.without_row_swapped(i).keys == t.keys,
        forall|r: int| 0 <= r < t.rows - 1 && r != i ==> #[trigger] t.without_row_swapped(i).row(r) == t.row(r),
        i < t.rows - 1 ==> t.without_row_swapped(i).row(i) == t.row(t.rows - 1),
{
    let u = t.without_row_swapped(i);
    assert forall|r: int| 0 <= r < t.rows - 1 && r != i implies #[trigger] u.row(r) == t.row(r) by {
        assert forall|c: int| 0 <= c < t.columns.len() implies u.row(r)[c] == t.row(r)[c] by {
            assert(t.columns[c].len() == t.rows);
        }
    }
    if i < t.rows - 1 {
        assert forall|c: int| 0 <= c < t.columns.len() implies u.row(i)[c] == t.row(t.rows - 1)[c] by {
            assert(t.columns[c].len() == t.rows);
        }
    }
}

/// Filtering keeps a sequence free of repetitions.
pub proof fn lemma_filter_no_duplicates<A>(s: Seq<A>, pred: spec_fn(A) -> bool)
    requires
        s.no_duplicates(),
    ensures
        s.filter(pred).no_duplicates(),
    decreases s.len(),
{
    reveal(Seq::filter);
    if s.len() > 0 {
        let init = s.drop_last();
        lemma_filter_no_duplicates(init, pred);
        let kept = init.filter(pred);
        if pred(s.last()) {
            assert forall|i: int, j: int| 0 <= i < j < kept.len() + 1 implies kept.push(s.last())[i] != kept.push(
                s.last(),
            )[j] by {
                if j == kept.len() {
                    if kept[i] == s.last() {
                        init.lemma_filter_contains_rev(pred, kept[i]);
                    }
                }
            }
        }
    }
}

/// Filtering twice is filtering once by both tests.
pub proof fn lemma_filter_twice<A>(
    s: Seq<A>,
    first: spec_fn(A) -> bool,
    second: spec_fn(A) -> bool,
    both: spec_fn(A) -> bool,
)
    requires
        forall|x: A| #[trigger] both(x) == (first(x) && second(x)),
    ensures
        s.filter(first).filter(second) == s.filter(both),
    decreases s.len(),
{
    reveal(Seq::filter);
    if s.len() > 0 {
        let init = s.drop_last();
        lemma_filter_twice(init, first, second, both);
        init.lemma_filter_push(s.last(), first);
        init.lemma_filter_push(s.last(), both);
        init.filter(first).lemma_filter_push(s.last(), second);
    }
}

/// The keys of a joined table are the keys that either table has.
pub proof fn lemma_joined_keys<V>(a: TableModel<V>, b: TableModel<V>, key: Seq<char>)
    ensures
        a.joined(b).has_key(key) == (a.has_key(key) || b.has_key(key)),
{
    let extra = b.keys.filter(a.lacks());
    let keys = a.joined(b).keys;
    if keys.contains(key) {
        let i = choose|i: int| 0 <= i < keys.len() && keys[i] == key;
        if i < a.keys.len() {
            assert(a.keys[i] == key);
        } else {
            b.keys.lemma_filter_contains_rev(a.lacks(), key);
        }
    }
    if a.has_key(key) {
        let i = choose|i: int| 0 <= i < a.keys.len() && a.keys[i] == key;
        assert(keys[i] == key);
    } else if b.has_key(key) {
        let i = choose|i: int| 0 <= i < b.keys.len() && b.keys[i] == key;
        b.keys.lemma_filter_contains(a.lacks(), i);
        let j = choose|j: int| 0 <= j < extra.len() && extra[j] == key;
        assert(keys[a.keys.len() + j] == key);
    }
}

/// Joining valid tables gives a valid table: no key twice, and every
/// column as long as the two tables have rows together.
pub proof fn lemma_joined_wf<V>(a: TableModel<V>, b: TableModel<V>)
    requires
        a.wf(),
        b.wf(),
    ensures
        a.joined(b).wf(),
{
    let j = a.joined(b);
    let extra = b.keys.filter(a.lacks());
    lemma_filter_no_duplicates(b.keys, a.lacks());
    assert forall|x: int, y: int| 0 <= x < y < j.keys.len() implies j.keys[x] != j.keys[y] by {
        if y < a.keys.len() {
        } else if x >= a.keys.len() {
            assert(extra[x - a.keys.len()] != extra[y - a.keys.len()]);
        } else {
            b.keys.lemma_filter_pred(a.lacks(), y - a.keys.len());
        }
    }
    assert forall|c: int| 0 <= c < j.columns.len() implies (#[trigger] j.columns[c]).len() == j.rows by {
        lemma_column_len(a, j.keys[c]);
        lemma_column_len(b, j.keys[c]);
    }
}

/// In a valid table the column under any key is as long as the table has
/// rows.
pub proof fn lemma_column_len<V>(t: TableModel<V>, key: Seq<char>)
    requires
        t.wf(),
    ensures
        t.column(key).len() == t.rows,
{
    lemma_first_at(t.keys, key);
    if t.has_key(key) {
        assert(t.columns[t.position(key)].len() == t.rows);
    }
}

/// The column of a joined table under a key is the column of the first
/// table followed by the column of the second.
pub proof fn lemma_joined_column<V>(a: TableModel<V>, b: TableModel<V>, key: Seq<char>)
    requires
        a.wf(),
        b.wf(),
    ensures
        a.joined(b).column(key) == a.column(key) + b.column(key),
{
    let j = a.joined(b);
    lemma_joined_keys(a, b, key);
    lemma_first_at(j.keys, key);
    if !j.has_key(key) {
        assert(j.column(key) =~= a.column(key) + b.column(key));
    }
}

/// Joining is associative: `a` joined with `b` and then with `c` is `a`
/// joined with the join of `b` and `c`, in keys, rows and cells.
pub proof fn lemma_joined_assoc<V>(a: TableModel<V>, b: TableModel<V>, c: TableModel<V>)
    requires
        a.wf(),
        b.wf(),
        c.wf(),
    ensures
        a.joined(b).joined(c) == a.joined(b.joined(c)),
{
    let ab = a.joined(b);
    let bc = b.joined(c);
    let left = ab.joined(c);
    let right = a.joined(bc);
    lemma_joined_wf(a, b);
    lemma_joined_wf(b, c);
    assert forall|k: Seq<char>| #[trigger] (ab.lacks())(k) == ((b.lacks())(k) && (a.lacks())(k)) by {
        lemma_joined_keys(a, b, k);
    }
    lemma_filter_twice(c.keys, b.lacks(), a.lacks(), ab.lacks());
    Seq::filter_distributes_over_add(b.keys, c.keys.filter(b.lacks()), a.lacks());
    assert forall|i: int| 0 <= i < left.columns.len() implies (#[trigger] left.columns[i]) == right.columns[i] by {
        let key = left.keys[i];
        lemma_joined_column(a, b, key);
        lemma_joined_column(b, c, key);
    }
}

/// Pruning a valid table gives a valid table in which every column holds
/// a value.
pub proof fn lemma_pruned<V>(t: TableModel<V>)
    requires
        t.wf(),
    ensures
        t.pruned().wf(),
        forall|c: int| 0 <= c < t.pruned().columns.len() ==> !(#[trigger] t.pruned().column_is_blank(c)),
{
    let p = t.pruned();
    let live = t.live_columns();
    lemma_upto_filter(t.columns.len(), t.column_is_live());
    assert forall|x: int, y: int| 0 <= x < y < p.keys.len() implies p.keys[x] != p.keys[y] by {
        assert(live[x] < live[y]);
    }
    assert forall|c: int| 0 <= c < p.columns.len() implies (#[trigger] p.columns[c]).len() == p.rows by {
        assert(t.columns[live[c]].len() == t.rows);
    }
    assert forall|c: int| 0 <= c < p.columns.len() implies !(#[trigger] p.column_is_blank(c)) by {
        assert((t.column_is_live())(live[c]));
    }
}

/// Squeezing a valid table keeps it valid, keeps every column that held a
/// value holding one, and leaves no row without a value.
pub proof fn lemma_squeezed<V>(t: TableModel<V>)
    requires
        t.wf(),
    ensures
        t.squeezed().wf(),
        forall|c: int|
            0 <= c < t.columns.len() && !t.column_is_blank(c) ==> !(#[trigger] t.squeezed().column_is_blank(c)),
        forall|r: int| 0 <= r < t.squeezed().rows ==> !(#[trigger] t.squeezed().row_is_blank(r)),
{
    let s = t.squeezed();
    let live = t.live_rows();
    lemma_upto_filter(t.rows, t.row_is_live());
    assert forall|c: int| 0 <= c < t.columns.len() && !t.column_is_blank(c) implies !(
    #[trigger] s.column_is_blank(c)) by {
        let r = choose|r: int| 0 <= r < t.columns[c].len() && !(#[trigger] t.columns[c][r] is None);
        assert(!t.row_is_blank(r)) by {
            if t.row_is_blank(r) {
                assert(t.columns[c][r] is None);
            }
        }
        assert(live.contains(r));
        let j = choose|j: int| 0 <= j < live.len() && live[j] == r;
        assert(s.columns[c][j] == t.columns[c][r]);
    }
    assert forall|r: int| 0 <= r < s.rows implies !(#[trigger] s.row_is_blank(r)) by {
        let from = live[r];
        let c = choose|c: int| 0 <= c < t.columns.len() && !((#[trigger] t.columns[c])[from] is None);
        assert(s.columns[c][r] == t.columns[c][from]);
    }
}

/// A valid table in which every column holds a value stays as it is when
/// pruned.
pub proof fn lemma_pruned_same<V>(t: TableModel<V>)
    requires
        t.wf(),
        forall|c: int| 0 <= c < t.columns.len() ==> !(#[trigger] t.column_is_blank(c)),
    ensures
        t.pruned() == t,
{
    assert forall|c: int| 0 <= c < t.columns.len() implies #[trigger] (t.column_is_live())(c) by {
        assert(!t.column_is_blank(c));
    }
    lemma_upto_filter_all(t.columns.len(), t.column_is_live());
}

/// A valid table in which every row holds a value stays as it is when
/// squeezed.
pub proof fn lemma_squeezed_same<V>(t: TableModel<V>)
    requires
        t.wf(),
        forall|r: int| 0 <= r < t.rows ==> !(#[trigger] t.row_is_blank(r)),
    ensures
        t.squeezed() == t,
{
    assert forall|r: int| 0 <= r < t.rows implies #[trigger] (t.row_is_live())(r) by {
        assert(!t.row_is_blank(r));
    }
    lemma_upto_filter_all(t.rows, t.row_is_live());
    let s = t.squeezed();
    assert forall|c: int| 0 <= c < t.columns.len() implies (#[trigger] s.columns[c]) =~= t.columns[c] by {
        assert(t.columns[c].len() == t.rows);
    }
}

/// Compaction keeps a valid table valid.
pub proof fn lemma_compacted_wf<V>(t: TableModel<V>)
    requires
        t.wf(),
    ensures
        t.compacted().wf(),
{
    lemma_pruned(t);
    lemma_squeezed(t.pruned());
}

/// Compaction is idempotent: a compacted table stays as it is when
/// compacted again.
pub proof fn lemma_compacted_idempotent<V>(t: TableModel<V>)
    requires
        t.wf(),
    ensures
        t.compacted().compacted() == t.compacted(),
{
    let p = t.pruned();
    lemma_pruned(t);
    lemma_squeezed(p);
    let s = p.squeezed();
    assert forall|c: int| 0 <= c < s.columns.len() implies !(#[trigger] s.column_is_blank(c)) by {
        assert(!p.column_is_blank(c));
    }
    lemma_pruned_same(s);
    lemma_squeezed_same(s);
}

/// The text holds neither the field separator nor a line break.
pub open spec fn plain(s: Seq<char>) -> bool {
    free_of(s, ';') && free_of(s, '\n')
}

/// The text does not end in a carriage return.
pub open spec fn open_ended(s: Seq<char>) -> bool {
    s.len() == 0 || s.last() != '\r'
}

/// The table can be written and read back: no key and no value holds a
/// separator, no value is empty, nothing that ends a line ends in a
/// carriage return, a table without columns has no rows, and a table of
/// one column has no absent cell.
pub open spec fn writable(t: TableModel<Seq<char>>) -> bool {
    &&& forall|c: int| 0 <= c < t.keys.len() ==> plain(#[trigger] t.keys[c])
    &&& forall|c: int, r: int|
        0 <= c < t.columns.len() && 0 <= r < t.rows ==> ((#[trigger] t.columns[c][r]) matches Some(v) ==> plain(v)
            && v.len() > 0)
    &&& t.keys.len() == 0 ==> t.rows == 0
    &&& t.keys.len() == 1 ==> forall|r: int| 0 <= r < t.rows ==> (#[trigger] t.columns[0][r]) is Some
    &&& t.keys.len() > 0 ==> open_ended(t.keys.last()) && forall|r: int|
        0 <= r < t.rows ==> open_ended(field_of(#[trigger] t.columns[t.columns.len() - 1][r]))
}

/// The lines of a table's text form: the header, then one line per row.
pub open spec fn all_lines(t: TableModel<Seq<char>>) -> Seq<Seq<char>> {
    seq![join(t.keys, ';')] + Seq::new(t.rows, |r: int| line_of(t, r))
}

/// The lines of the first `n` rows, each with its line break, are those
/// lines terminated.
proof fn lemma_body_terminated(t: TableModel<Seq<char>>, n: nat)
    requires
        n <= t.rows,
    ensures
        join(t.keys, ';').push('\n') + body_of(t, n) == terminated(all_lines(t).take(n + 1 as int)),
    decreases n,
{
    let ls = all_lines(t).take(n + 1 as int);
    if n == 0 {
        assert(terminated(ls.drop_last()) =~= Seq::<char>::empty());
    } else {
        lemma_body_terminated(t, (n - 1) as nat);
        assert(ls.drop_last() =~= all_lines(t).take(n as int));
    }
}

/// What holds of the line of a row of a writable table: it holds no line
/// break, it is not empty, it does not end in a carriage return, and it
/// splits into the fields of the row.
proof fn lemma_row_line(t: TableModel<Seq<char>>, r: int)
    requires
        t.wf(),
        writable(t),
        t.keys.len() > 0,
        0 <= r < t.rows,
    ensures
        free_of(line_of(t, r), '\n'),
        line_of(t, r).len() > 0,
        strip_cr(line_of(t, r)) == line_of(t, r),
        split(line_of(t, r), ';') == fields_of(t, r),
{
    let fields = fields_of(t, r);
    let width = t.columns.len();
    assert forall|c: int| 0 <= c < fields.len() implies free_of(#[trigger] fields[c], '\n') && free_of(
        fields[c],
        ';',
    ) by {
        match t.columns[c][r] {
            Some(v) => {
                assert(plain(v));
            },
            None => {
                assert(!Seq::<char>::empty().contains('\n'));
            },
        }
    }
    lemma_join_free(fields, ';', '\n');
    lemma_split_join(fields, ';');
    if width == 1 {
        assert(t.columns[0][r] is Some);
    } else {
        lemma_join_last(fields, ';');
    }
}

/// Round trip: the text form of a valid, writable table of texts is read
/// back as that table: the same keys in the same order, the same rows, the
/// same cells, absent ones absent.
pub proof fn lemma_round_trip(t: TableModel<Seq<char>>)
    requires
        t.wf(),
        writable(t),
    ensures
        decoded(encoded(t)) == Ok::<TableModel<Seq<char>>, crate::table::TableError>(t),
{
    let text = encoded(t);
    if t.keys.len() == 0 {
        assert(t =~~= TableModel::<Seq<char>>::empty());
    } else {
        let ls = all_lines(t);
        let width = t.keys.len();
        lemma_body_terminated(t, t.rows);
        assert(ls.take(t.rows + 1 as int) =~= ls);
        // the header
        assert forall|c: int| 0 <= c < t.keys.len() implies free_of(#[trigger] t.keys[c], '\n') && free_of(
            t.keys[c],
            ';',
        ) by {
            assert(plain(t.keys[c]));
        }
        lemma_join_free(t.keys, ';', '\n');
        lemma_split_join(t.keys, ';');
        let header = join(t.keys, ';');
        assert(strip_cr(header) == header) by {
            if width >= 2 {
                lemma_join_last(t.keys, ';');
            }
        }
        // every line
        assert forall|i: int| 0 <= i < ls.len() implies free_of(#[trigger] ls[i], '\n') && strip_cr(ls[i])
            == ls[i] by {
            if i > 0 {
                lemma_row_line(t, i - 1);
            }
        }
        lemma_split_terminated(ls);
        let rest = lines(text).skip(1);
        assert forall|r: int| 0 <= r < rest.len() implies (filled())(#[trigger] rest[r]) by {
            lemma_row_line(t, r);
        }
        lemma_filter_all(rest, filled());
        let body = row_lines(text);
        assert forall|r: int| 0 <= r < body.len() implies split(#[trigger] body[r], ';').len() <= width by {
            lemma_row_line(t, r);
        }
        let got = decoded(text)->Ok_0;
        assert forall|c: int| 0 <= c < width implies (#[trigger] got.columns[c]) =~= t.columns[c] by {
            assert forall|r: int| 0 <= r < t.rows implies got.columns[c][r] == t.columns[c][r] by {
                lemma_row_line(t, r);
            }
        }
        assert(got =~~= t);
    }
}

} // verus!

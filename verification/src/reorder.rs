//! Rows put in ascending order of a text column.

use vstd::prelude::*;
use vstd::relations::total_ordering;
use vstd::seq_lib::*;
use vstd::string::*;
use vstd::utf8::encode_utf8;
use crate::error::Error;
use crate::table::{row_indices, Cells, Table};
use crate::text::{
    bytes_before,
    lemma_bytes_before_asymmetric,
    lemma_bytes_before_irreflexive,
    lemma_bytes_before_total,
    lemma_bytes_before_transitive,
    rank_bytes,
    Rank,
};
use crate::view::{
    lemma_column_height,
    lemma_take_column,
    lemma_take_well_formed,
    CellsView,
    TableView,
};

verus! {

/// What the cell at row `i` is ordered by: the UTF-8 bytes of a text, and
/// the empty string for a null and for a number.
pub open spec fn sort_key(cells: CellsView, i: int) -> Seq<u8> {
    match cells {
        CellsView::Text(s) => match s[i] {
            Some(text) => encode_utf8(text),
            None => Seq::empty(),
        },
        CellsView::Number(_) => Seq::empty(),
    }
}

/// The sort keys of a column, row by row.
pub open spec fn sort_keys(cells: CellsView) -> Seq<Seq<u8>> {
    Seq::new(cells.len(), |i: int| sort_key(cells, i))
}

/// Row `i` comes before row `j`: its key is the smaller one in byte-wise
/// lexicographic order, or the keys are equal and `i` is the earlier row.
pub open spec fn row_before(keys: Seq<Seq<u8>>, i: int, j: int) -> bool {
    bytes_before(keys[i], keys[j]) || (keys[i] == keys[j] && i < j)
}

/// `rows` lists each of the rows `0` to `n - 1` exactly once.
pub open spec fn is_permutation(rows: Seq<int>, n: nat) -> bool {
    &&& rows.len() == n
    &&& forall|k: int| 0 <= k < rows.len() ==> 0 <= #[trigger] rows[k] < n
    &&& forall|j: int| 0 <= j < n ==> rows.contains(j)
    &&& rows.no_duplicates()
}

/// Each row in `rows` comes before all that follow it.
pub open spec fn in_order(keys: Seq<Seq<u8>>, rows: Seq<int>) -> bool {
    forall|a: int, b: int| 0 <= a < b < rows.len() ==> row_before(keys, rows[a], rows[b])
}

/// `rows` is the order of the rows by `keys`.
pub open spec fn orders(keys: Seq<Seq<u8>>, rows: Seq<int>) -> bool {
    is_permutation(rows, keys.len()) && in_order(keys, rows)
}

/// The rows in ascending order of their keys, rows of equal keys in the
/// order in which they stand.
pub open spec fn row_order(keys: Seq<Seq<u8>>) -> Seq<int> {
    choose|rows: Seq<int>| orders(keys, rows)
}

/// `t` with its rows in ascending order of the column `cells`.
pub open spec fn reordered(t: TableView, cells: CellsView) -> TableView {
    t.take(row_order(sort_keys(cells)))
}

/// Of two rows at most one comes before the other.
pub proof fn lemma_row_before_asymmetric(keys: Seq<Seq<u8>>, i: int, j: int)
    requires
        row_before(keys, i, j),
    ensures
        !row_before(keys, j, i),
{
    if bytes_before(keys[i], keys[j]) {
        lemma_bytes_before_asymmetric(keys[i], keys[j]);
    } else {
        lemma_bytes_before_irreflexive(keys[i]);
    }
}

/// A row that comes before a second comes before all that the second
/// comes before.
pub proof fn lemma_row_before_transitive(keys: Seq<Seq<u8>>, i: int, j: int, k: int)
    requires
        row_before(keys, i, j),
        row_before(keys, j, k),
    ensures
        row_before(keys, i, k),
{
    if bytes_before(keys[i], keys[j]) && bytes_before(keys[j], keys[k]) {
        lemma_bytes_before_transitive(keys[i], keys[j], keys[k]);
    }
}

proof fn lemma_orders_agree(keys: Seq<Seq<u8>>, a: Seq<int>, b: Seq<int>, upto: int)
    requires
        orders(keys, a),
        orders(keys, b),
        0 <= upto <= keys.len(),
    ensures
        forall|p: int| 0 <= p < upto ==> a[p] == b[p],
    decreases upto,
{
    if upto > 0 {
        lemma_orders_agree(keys, a, b, upto - 1);
        let p = upto - 1;
        let x = a[p];
        let y = b[p];
        if x != y {
            assert(0 <= x < keys.len());
            assert(0 <= y < keys.len());
            assert(b.contains(x));
            let i = choose|i: int| 0 <= i < b.len() && b[i] == x;
            if i < p {
                assert(a[i] == x);
            }
            assert(row_before(keys, b[p], b[i]));
            assert(a.contains(y));
            let j = choose|j: int| 0 <= j < a.len() && a[j] == y;
            if j < p {
                assert(b[j] == y);
            }
            assert(row_before(keys, a[p], a[j]));
            lemma_row_before_asymmetric(keys, x, y);
        }
    }
}

/// There is one order of the rows only.
pub proof fn lemma_order_unique(keys: Seq<Seq<u8>>, a: Seq<int>, b: Seq<int>)
    requires
        orders(keys, a),
        orders(keys, b),
    ensures
        a == b,
{
    lemma_orders_agree(keys, a, b, keys.len() as int);
    assert(a =~= b);
}

/// Row `i` does not come after row `j`.
pub open spec fn row_not_after(keys: Seq<Seq<u8>>) -> spec_fn(int, int) -> bool {
    |i: int, j: int| !row_before(keys, j, i)
}

/// Of two different rows one comes before the other.
pub proof fn lemma_row_before_total(keys: Seq<Seq<u8>>, i: int, j: int)
    requires
        i != j,
    ensures
        row_before(keys, i, j) || row_before(keys, j, i),
{
    lemma_bytes_before_total(keys[i], keys[j]);
}

/// Not to come after is a total order of the rows.
proof fn lemma_row_not_after_is_total_order(keys: Seq<Seq<u8>>)
    ensures
        total_ordering(row_not_after(keys)),
{
    let leq = row_not_after(keys);
    assert forall|i: int, j: int| #[trigger] leq(i, j) && #[trigger] leq(j, i) implies i == j by {
        if i != j {
            lemma_row_before_total(keys, i, j);
        }
    }
    assert forall|i: int, j: int, k: int| #[trigger] leq(i, j) && #[trigger] leq(j, k) implies leq(
        i,
        k,
    ) by {
        if row_before(keys, k, i) {
            if i == j {
            } else {
                lemma_row_before_total(keys, i, j);
                lemma_row_before_transitive(keys, k, i, j);
            }
        }
    }
}

/// Whatever the keys, the rows have an order, and `row_order` is it: it
/// lists every row exactly once, and each row in it comes before all that
/// follow it.
pub proof fn lemma_row_order(keys: Seq<Seq<u8>>)
    ensures
        orders(keys, row_order(keys)),
{
    let n = keys.len();
    let leq = row_not_after(keys);
    let all = Seq::new(n, |i: int| i);
    let sorted = all.sort_by(leq);
    lemma_row_not_after_is_total_order(keys);
    all.lemma_sort_by_ensures(leq);
    all.to_multiset_ensures();
    sorted.to_multiset_ensures();
    all.lemma_multiset_has_no_duplicates();
    sorted.lemma_multiset_has_no_duplicates_conv();
    assert forall|k: int| 0 <= k < sorted.len() implies 0 <= #[trigger] sorted[k] < n by {
        assert(sorted.contains(sorted[k]));
    }
    assert forall|j: int| 0 <= j < n implies sorted.contains(j) by {
        assert(all[j] == j);
        assert(all.to_multiset().count(j) > 0);
    }
    assert forall|a: int, b: int| 0 <= a < b < sorted.len() implies row_before(
        keys,
        sorted[a],
        sorted[b],
    ) by {
        assert(leq(sorted[a], sorted[b]));
        lemma_row_before_total(keys, sorted[a], sorted[b]);
    }
    assert(orders(keys, sorted));
}

/// Reordering keeps every row and every column: the reordered table is made
/// of the rows of `t`, each taken once, in ascending order of the column
/// `name`.
pub proof fn lemma_reordered(t: TableView, name: Seq<char>)
    requires
        t.well_formed(),
        t.has_column(name),
    ensures
        ({
            let keys = sort_keys(t.column(name).cells);
            let out = reordered(t, t.column(name).cells);
            &&& out == t.take(row_order(keys))
            &&& is_permutation(row_order(keys), t.height())
            &&& in_order(keys, row_order(keys))
            &&& out.well_formed()
            &&& out.height() == t.height()
            &&& out.width() == t.width()
        }),
{
    let keys = sort_keys(t.column(name).cells);
    lemma_row_order(keys);
}

/// No two rows bear the same key.
pub open spec fn distinct_keys(keys: Seq<Seq<u8>>) -> bool {
    forall|i: int, j: int| 0 <= i < j < keys.len() ==> keys[i] != keys[j]
}

/// Taking rows one after the other is taking the rows of the second list out
/// of the first.
proof fn lemma_take_twice(t: TableView, first: Seq<int>, second: Seq<int>)
    requires
        forall|k: int| 0 <= k < second.len() ==> 0 <= #[trigger] second[k] < first.len(),
    ensures
        t.take(first).take(second) == t.take(Seq::new(second.len(), |a: int| first[second[a]])),
{
    let both = Seq::new(second.len(), |a: int| first[second[a]]);
    let left = t.take(first).take(second);
    let right = t.take(both);
    assert forall|c: int| 0 <= c < t.columns.len() implies left.columns[c] == right.columns[c] by {
        match t.columns[c].cells {
            CellsView::Text(s) => {
                assert(left.columns[c].cells->Text_0 =~= right.columns[c].cells->Text_0);
            },
            CellsView::Number(s) => {
                assert(left.columns[c].cells->Number_0 =~= right.columns[c].cells->Number_0);
            },
        }
    }
    assert(left.columns =~= right.columns);
}

/// Where no two rows bear the same timestamp, it does not matter in which
/// order the rows stand: a table whose rows were taken in another order is
/// reordered to the same table.
pub proof fn lemma_reorder_forgets_order(t: TableView, name: Seq<char>, rows: Seq<int>)
    requires
        t.well_formed(),
        t.has_column(name),
        is_permutation(rows, t.height()),
        distinct_keys(sort_keys(t.column(name).cells)),
    ensures
        t.take(rows).has_column(name),
        reordered(t.take(rows), t.take(rows).column(name).cells) == reordered(
            t,
            t.column(name).cells,
        ),
{
    let cells = t.column(name).cells;
    let keys = sort_keys(cells);
    let n = t.height();
    lemma_column_height(t, name);
    lemma_take_well_formed(t, rows);
    lemma_take_column(t, rows, name);
    let mixed = t.take(rows);
    let mixed_keys = sort_keys(mixed.column(name).cells);
    assert forall|i: int| 0 <= i < n implies #[trigger] mixed_keys[i] == keys[rows[i]] by {
        assert(0 <= rows[i] < n);
        match cells {
            CellsView::Text(s) => {
                assert(mixed.column(name).cells->Text_0[i] == s[rows[i]]);
            },
            CellsView::Number(s) => {},
        }
    }
    lemma_row_order(mixed_keys);
    lemma_row_order(keys);
    let second = row_order(mixed_keys);
    let both = Seq::new(n, |a: int| rows[second[a]]);
    assert forall|j: int| 0 <= j < n implies both.contains(j) by {
        assert(rows.contains(j));
        let i = choose|i: int| 0 <= i < rows.len() && rows[i] == j;
        assert(second.contains(i));
        let a = choose|a: int| 0 <= a < second.len() && second[a] == i;
        assert(both[a] == j);
    }
    assert forall|a: int, b: int| 0 <= a < b < n implies row_before(keys, both[a], both[b]) by {
        assert(0 <= second[a] < n && 0 <= second[b] < n);
        assert(second[a] != second[b]);
        assert(rows[second[a]] != rows[second[b]]);
        assert(0 <= both[a] < n && 0 <= both[b] < n);
        assert(row_before(mixed_keys, second[a], second[b]));
        assert(mixed_keys[second[a]] == keys[both[a]]);
        assert(mixed_keys[second[b]] == keys[both[b]]);
        if both[a] < both[b] {
            assert(keys[both[a]] != keys[both[b]]);
        } else {
            assert(keys[both[b]] != keys[both[a]]);
        }
    }
    assert forall|a: int, b: int| 0 <= a < both.len() && 0 <= b < both.len() && a != b implies both[a]
        != both[b] by {
        assert(0 <= second[a] < n && 0 <= second[b] < n);
        assert(second[a] != second[b]);
    }
    assert forall|k: int| 0 <= k < both.len() implies 0 <= #[trigger] both[k] < n by {
        assert(0 <= second[k] < n);
    }
    assert(orders(keys, both));
    lemma_order_unique(keys, both, row_order(keys));
    lemma_take_twice(t, rows, second);
}

/// The rows `lo` to `hi - 1`, ascending.
spec fn span(lo: int, hi: int) -> Seq<usize> {
    Seq::new((hi - lo) as nat, |k: int| (lo + k) as usize)
}

/// The keys as plain values.
pub open spec fn keys_view(keys: Seq<Vec<u8>>) -> Seq<Seq<u8>> {
    keys.map_values(|k: Vec<u8>| k@)
}

spec fn sorted(keys: Seq<Seq<u8>>, rows: Seq<usize>) -> bool {
    forall|a: int, b: int|
        0 <= a < b < rows.len() ==> row_before(keys, rows[a] as int, rows[b] as int)
}

proof fn lemma_span_members(rows: Seq<usize>, lo: int, hi: int)
    requires
        0 <= lo <= hi <= usize::MAX,
        rows.to_multiset() == span(lo, hi).to_multiset(),
    ensures
        rows.len() == hi - lo,
        forall|k: int| 0 <= k < rows.len() ==> lo <= #[trigger] rows[k] < hi,
        forall|x: usize| lo <= x < hi ==> rows.contains(x),
{
    let all = span(lo, hi);
    rows.to_multiset_ensures();
    all.to_multiset_ensures();
    assert forall|k: int| 0 <= k < rows.len() implies lo <= #[trigger] rows[k] < hi by {
        assert(rows.contains(rows[k]));
        assert(rows.to_multiset().count(rows[k]) > 0);
        assert(all.to_multiset().count(rows[k]) > 0);
        assert(all.contains(rows[k]));
        let at = choose|at: int| 0 <= at < all.len() && all[at] == rows[k];
        assert(all[at] == lo + at);
    }
    assert forall|x: usize| lo <= x < hi implies rows.contains(x) by {
        assert(all[x - lo] == x);
        assert(all.contains(x));
        assert(all.to_multiset().count(x) > 0);
        assert(rows.to_multiset().count(x) > 0);
    }
}

/// Tells whether row `i` comes before row `j`.
fn precedes(keys: &Vec<Vec<u8>>, i: usize, j: usize) -> (b: bool)
    requires
        i < keys.len(),
        j < keys.len(),
    ensures
        b == row_before(keys_view(keys@), i as int, j as int),
        !b && i != j ==> row_before(keys_view(keys@), j as int, i as int),
{
    match rank_bytes(&keys[i], &keys[j]) {
        Rank::Before => true,
        Rank::Same => i < j,
        Rank::After => {
            proof {
                lemma_bytes_before_asymmetric(keys[j as int]@, keys[i as int]@);
            }
            false
        },
    }
}

/// Merges two runs of rows, each in order, into one.
fn merge(keys: &Vec<Vec<u8>>, left: &Vec<usize>, right: &Vec<usize>) -> (out: Vec<usize>)
    requires
        sorted(keys_view(keys@), left@),
        sorted(keys_view(keys@), right@),
        forall|a: int| 0 <= a < left.len() ==> left[a] < keys.len(),
        forall|b: int| 0 <= b < right.len() ==> right[b] < keys.len(),
        forall|a: int, b: int| 0 <= a < left.len() && 0 <= b < right.len() ==> left[a] != right[b],
    ensures
        sorted(keys_view(keys@), out@),
        out@.to_multiset() == left@.to_multiset().add(right@.to_multiset()),
{
    let ghost kv = keys_view(keys@);
    let mut out: Vec<usize> = Vec::new();
    let mut i: usize = 0;
    let mut j: usize = 0;
    proof {
        let none = Seq::<usize>::empty();
        assert(left@.take(0) =~= none);
        assert(right@.take(0) =~= none);
        assert(out@ =~= none);
        broadcast use vstd::multiset::group_multiset_axioms;
        none.to_multiset_ensures();
        vstd::multiset::lemma_multiset_empty_len(none.to_multiset());
        assert(none.to_multiset() =~= none.to_multiset().add(none.to_multiset()));
    }
    while i < left.len() || j < right.len()
        invariant
            i <= left.len(),
            j <= right.len(),
            kv == keys_view(keys@),
            sorted(kv, left@),
            sorted(kv, right@),
            forall|a: int| 0 <= a < left.len() ==> left[a] < keys.len(),
            forall|b: int| 0 <= b < right.len() ==> right[b] < keys.len(),
            forall|a: int, b: int|
                0 <= a < left.len() && 0 <= b < right.len() ==> left[a] != right[b],
            sorted(kv, out@),
            forall|c: int, a: int|
                0 <= c < out.len() && i <= a < left.len() ==> row_before(
                    kv,
                    out[c] as int,
                    left[a] as int,
                ),
            forall|c: int, b: int|
                0 <= c < out.len() && j <= b < right.len() ==> row_before(
                    kv,
                    out[c] as int,
                    right[b] as int,
                ),
            out@.to_multiset() == left@.take(i as int).to_multiset().add(
                right@.take(j as int).to_multiset(),
            ),
        decreases left.len() - i + right.len() - j,
    {
        let from_left = if i == left.len() {
            false
        } else if j == right.len() {
            true
        } else {
            !precedes(keys, right[j], left[i])
        };
        if from_left {
            let x = left[i];
            proof {
                assert forall|b: int| j <= b < right.len() implies row_before(
                    kv,
                    x as int,
                    right[b] as int,
                ) by {
                    assert(row_before(kv, x as int, right[j as int] as int));
                    if j < b {
                        assert(row_before(kv, right[j as int] as int, right[b] as int));
                        lemma_row_before_transitive(
                            kv,
                            x as int,
                            right[j as int] as int,
                            right[b] as int,
                        );
                    }
                }
                assert(left@.take(i + 1) =~= left@.take(i as int).push(x));
                broadcast use vstd::multiset::group_multiset_axioms;
                left@.take(i as int).to_multiset_ensures();
                out@.to_multiset_ensures();
                assert(out@.push(x).to_multiset() =~= left@.take(i + 1).to_multiset().add(
                    right@.take(j as int).to_multiset(),
                ));
            }
            out.push(x);
            i += 1;
        } else {
            let y = right[j];
            proof {
                assert forall|a: int| i <= a < left.len() implies row_before(
                    kv,
                    y as int,
                    left[a] as int,
                ) by {
                    assert(row_before(kv, y as int, left[i as int] as int));
                    if i < a {
                        assert(row_before(kv, left[i as int] as int, left[a] as int));
                        lemma_row_before_transitive(
                            kv,
                            y as int,
                            left[i as int] as int,
                            left[a] as int,
                        );
                    }
                }
                assert(right@.take(j + 1) =~= right@.take(j as int).push(y));
                broadcast use vstd::multiset::group_multiset_axioms;
                right@.take(j as int).to_multiset_ensures();
                out@.to_multiset_ensures();
                assert(out@.push(y).to_multiset() =~= left@.take(i as int).to_multiset().add(
                    right@.take(j + 1).to_multiset(),
                ));
            }
            out.push(y);
            j += 1;
        }
    }
    proof {
        assert(left@.take(left.len() as int) =~= left@);
        assert(right@.take(right.len() as int) =~= right@);
    }
    out
}

/// The rows `lo` to `hi - 1` in order.
fn sort_span(keys: &Vec<Vec<u8>>, lo: usize, hi: usize) -> (rows: Vec<usize>)
    requires
        lo <= hi <= keys.len(),
    ensures
        sorted(keys_view(keys@), rows@),
        rows@.to_multiset() == span(lo as int, hi as int).to_multiset(),
    decreases hi - lo,
{
    if hi - lo <= 1 {
        let mut rows: Vec<usize> = Vec::new();
        if lo < hi {
            rows.push(lo);
        }
        assert(rows@ =~= span(lo as int, hi as int));
        rows
    } else {
        let mid = lo + (hi - lo) / 2;
        let left = sort_span(keys, lo, mid);
        let right = sort_span(keys, mid, hi);
        proof {
            lemma_span_members(left@, lo as int, mid as int);
            lemma_span_members(right@, mid as int, hi as int);
            assert(span(lo as int, hi as int) =~= span(lo as int, mid as int) + span(
                mid as int,
                hi as int,
            ));
            lemma_multiset_commutative(span(lo as int, mid as int), span(mid as int, hi as int));
        }
        merge(keys, &left, &right)
    }
}

/// The rows in ascending order of their keys, rows of equal keys in the
/// order in which they stand.
pub fn order_by_keys(keys: &Vec<Vec<u8>>) -> (rows: Vec<usize>)
    ensures
        orders(keys_view(keys@), row_indices(rows@)),
        row_indices(rows@) == row_order(keys_view(keys@)),
{
    let rows = sort_span(keys, 0, keys.len());
    proof {
        let kv = keys_view(keys@);
        let found = row_indices(rows@);
        lemma_span_members(rows@, 0, keys.len() as int);
        assert forall|j: int| 0 <= j < kv.len() implies found.contains(j) by {
            assert(rows@.contains(j as usize));
            let k = choose|k: int| 0 <= k < rows@.len() && rows@[k] == j as usize;
            assert(found[k] == j);
        }
        assert forall|a: int, b: int| 0 <= a < b < found.len() implies found[a] != found[b] by {
            assert(row_before(kv, found[a], found[b]));
        }
        assert(orders(kv, found));
        lemma_row_order(kv);
        lemma_order_unique(kv, found, row_order(kv));
    }
    rows
}

/// The sort keys of a column.
fn keys_of(cells: &Cells) -> (keys: Vec<Vec<u8>>)
    ensures
        keys_view(keys@) == sort_keys(cells@),
{
    let n = cells.len();
    let mut keys: Vec<Vec<u8>> = Vec::new();
    let mut i: usize = 0;
    while i < n
        invariant
            i <= n,
            n == cells@.len(),
            keys@.len() == i,
            forall|j: int| 0 <= j < i ==> keys@[j]@ == sort_key(cells@, j),
        decreases n - i,
    {
        let key = match cells {
            Cells::Text(texts) => match &texts[i] {
                Some(text) => text.as_str().as_bytes_vec(),
                None => Vec::new(),
            },
            Cells::Number(_) => Vec::new(),
        };
        keys.push(key);
        i += 1;
    }
    assert(keys_view(keys@) =~= sort_keys(cells@));
    keys
}

/// Puts the rows of `table` in ascending order of the text in column `col`,
/// compared byte by byte. A null, and any cell of a column of numbers, counts
/// as the empty string. Rows of equal text keep the order in which they stood.
pub fn reorder_by_string_column(table: &Table, col: &str) -> (r: Result<Table, Error>)
    ensures
        r is Ok <==> table@.has_column(col@),
        r is Err ==> r->Err_0 == Error::MissingColumn,
        r is Ok ==> {
            let keys = sort_keys(table@.column(col@).cells);
            &&& orders(keys, row_order(keys))
            &&& r->Ok_0@ == reordered(table@, table@.column(col@).cells)
            &&& r->Ok_0@.well_formed()
        },
{
    let column = match table.column(col) {
        Some(column) => column,
        None => {
            return Err(Error::MissingColumn);
        },
    };
    let keys = keys_of(&column.cells);
    let rows = order_by_keys(&keys);
    Ok(table.take_in_range(&rows))
}

} // verus!

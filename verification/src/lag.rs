//! Lagged copies of a column of numbers: the value of `k` rows earlier, for
//! each `k` from one up to a given number of lags.

use vstd::prelude::*;
use vstd::string::*;
use crate::error::Error;
use crate::table::{columns_view, Cells, Column, Table};
use crate::text::{decimal, decimal_text, lemma_decimal_value};
use crate::view::{
    lemma_column_height,
    lemma_position,
    numeric_fault,
    CellsView,
    ColumnView,
    TableView,
};

verus! {

/// What every lag column's name begins with.
pub open spec fn lag_prefix() -> Seq<char> {
    seq!['l', 'a', 'g', '_']
}

/// The name of the column that holds the values of `k` rows earlier.
pub open spec fn lag_name(k: nat) -> Seq<char> {
    lag_prefix() + decimal(k)
}

/// Different lags have different names.
pub proof fn lemma_lag_names_differ(j: nat, k: nat)
    requires
        j != k,
    ensures
        lag_name(j) != lag_name(k),
{
    lemma_decimal_value(j);
    lemma_decimal_value(k);
    assert(lag_name(j).subrange(4, lag_name(j).len() as int) =~= decimal(j));
    assert(lag_name(k).subrange(4, lag_name(k).len() as int) =~= decimal(k));
}

/// `target` moved down by `k` rows: row `i` holds what `target` holds at row
/// `i - k`, and the first `k` rows hold nothing.
pub open spec fn lagged(target: Seq<Option<u64>>, k: int) -> Seq<Option<u64>> {
    Seq::new(
        target.len(),
        |i: int|
            if i >= k {
                target[i - k]
            } else {
                None
            },
    )
}

/// The column for lag `k`.
pub open spec fn lag_column(target: Seq<Option<u64>>, k: int) -> ColumnView {
    ColumnView { name: lag_name(k as nat), cells: CellsView::Number(lagged(target, k)) }
}

/// The lag columns for the lags one to `num_lags`, in that order.
pub open spec fn lag_columns(target: Seq<Option<u64>>, num_lags: nat) -> Seq<ColumnView> {
    Seq::new(num_lags, |j: int| lag_column(target, j + 1))
}

/// `t` with the lag columns of `target` added on the right.
pub open spec fn with_lags(t: TableView, target: Seq<Option<u64>>, num_lags: nat) -> TableView {
    TableView { columns: t.columns + lag_columns(target, num_lags) }
}

/// `t` already has a column named like one of the lags one to `num_lags`.
pub open spec fn lag_clash(t: TableView, num_lags: nat) -> bool {
    exists|k: nat| 1 <= k <= num_lags && t.has_column(#[trigger] lag_name(k))
}

/// Adding lag columns to a table that has none of their names keeps it well
/// formed, and keeps its height and its own columns.
pub proof fn lemma_with_lags_well_formed(t: TableView, target: Seq<Option<u64>>, num_lags: nat)
    requires
        t.well_formed(),
        t.width() > 0,
        target.len() == t.height(),
        !lag_clash(t, num_lags),
    ensures
        with_lags(t, target, num_lags).well_formed(),
        with_lags(t, target, num_lags).height() == t.height(),
        with_lags(t, target, num_lags).width() == t.width() + num_lags,
{
    let out = with_lags(t, target, num_lags);
    let w = t.columns.len() as int;
    assert(out.columns[0] == t.columns[0]);
    assert forall|i: int| 0 <= i < out.columns.len() implies #[trigger] out.columns[i].cells.len()
        == out.height() by {
        if i < w {
            assert(out.columns[i] == t.columns[i]);
            assert(t.columns[i].cells.len() == t.height());
        } else {
            assert(out.columns[i] == lag_column(target, i - w + 1));
        }
    }
    assert forall|i: int, j: int| 0 <= i < j < out.columns.len() implies #[trigger] out.columns[i].name
        != #[trigger] out.columns[j].name by {
        if j < w {
            assert(t.columns[i].name != t.columns[j].name);
        } else if i < w {
            let k = (j - w + 1) as nat;
            assert(out.columns[j].name == lag_name(k));
            assert(out.columns[i] == t.columns[i]);
            if t.columns[i].name == lag_name(k) {
                assert(t.has_column(lag_name(k)));
            }
        } else {
            lemma_lag_names_differ((i - w + 1) as nat, (j - w + 1) as nat);
        }
    }
}

/// A table with lag columns holds its own columns unchanged, and each lag
/// column under its name.
pub proof fn lemma_with_lags_columns(t: TableView, target: Seq<Option<u64>>, num_lags: nat)
    requires
        t.well_formed(),
        t.width() > 0,
        target.len() == t.height(),
        !lag_clash(t, num_lags),
    ensures
        forall|name: Seq<char>| #[trigger]
            t.has_column(name) ==> with_lags(t, target, num_lags).has_column(name) && with_lags(
                t,
                target,
                num_lags,
            ).column(name) == t.column(name),
        forall|k: int|
            1 <= k <= num_lags ==> with_lags(t, target, num_lags).has_column(
                #[trigger] lag_name(k as nat),
            ) && with_lags(t, target, num_lags).column(lag_name(k as nat)) == lag_column(target, k),
{
    let out = with_lags(t, target, num_lags);
    let w = t.columns.len() as int;
    lemma_with_lags_well_formed(t, target, num_lags);
    assert forall|name: Seq<char>| #[trigger] t.has_column(name) implies out.has_column(name)
        && out.column(name) == t.column(name) by {
        let i = t.position(name);
        assert(out.columns[i] == t.columns[i]);
        lemma_position(out, i);
    }
    assert forall|k: int| 1 <= k <= num_lags implies out.has_column(#[trigger] lag_name(k as nat))
        && out.column(lag_name(k as nat)) == lag_column(target, k) by {
        assert(out.columns[w + k - 1] == lag_column(target, k));
        lemma_position(out, w + k - 1);
    }
}

/// The lag builder adds exactly `num_lags` columns and no row, and in the
/// column for lag `k` each of the first `k` rows is null.
pub proof fn lemma_lag_features(t: TableView, target: Seq<char>, num_lags: nat)
    requires
        t.well_formed(),
        numeric_fault(t, target) is None,
        !lag_clash(t, num_lags),
    ensures
        ({
            let out = with_lags(t, t.column(target).cells->Number_0, num_lags);
            &&& out.well_formed()
            &&& out.width() == t.width() + num_lags
            &&& out.height() == t.height()
            &&& forall|k: int, i: int|
                1 <= k <= num_lags && 0 <= i < t.height() && i < k ==> out.has_column(
                    lag_name(k as nat),
                ) && #[trigger] out.column(lag_name(k as nat)).cells.is_null(i)
        }),
{
    let cells = t.column(target).cells->Number_0;
    lemma_column_height(t, target);
    lemma_with_lags_well_formed(t, cells, num_lags);
    lemma_with_lags_columns(t, cells, num_lags);
}

/// The name of the column for lag `k`: `lag_` and `k` in decimal digits.
pub fn lag_column_name(k: usize) -> (name: String)
    ensures
        name@ == lag_name(k as nat),
{
    proof {
        reveal_strlit("lag_");
    }
    let mut name = String::from_str("lag_");
    assert(name@ =~= lag_prefix());
    let digits = decimal_text(k as u64);
    name.append(digits.as_str());
    name
}

/// The cells of the column for lag `k`.
fn lagged_cells(target: &Vec<Option<u64>>, k: usize) -> (cells: Vec<Option<u64>>)
    ensures
        cells@ == lagged(target@, k as int),
{
    let mut cells: Vec<Option<u64>> = Vec::new();
    let mut i: usize = 0;
    while i < target.len()
        invariant
            i <= target.len(),
            cells@.len() == i,
            forall|j: int| 0 <= j < i ==> cells@[j] == lagged(target@, k as int)[j],
        decreases target.len() - i,
    {
        if i >= k {
            cells.push(target[i - k]);
        } else {
            cells.push(None);
        }
        i += 1;
    }
    assert(cells@ =~= lagged(target@, k as int));
    cells
}

/// Adds to `table` one column for each lag from one to `num_lags`, named
/// `lag_1`, `lag_2` and so on: at row `i` the column for lag `k` holds the
/// value of `target_col` at row `i - k`, and null in the first `k` rows. The
/// table's own columns and its rows stay as they are. The rows are taken in
/// the order in which they stand.
///
/// It fails where `target_col` is missing or holds text, and otherwise where
/// the table already has a column named like one of the lags.
pub fn make_lag_features(table: &Table, target_col: &str, num_lags: usize) -> (r: Result<
    Table,
    Error,
>)
    ensures
        match numeric_fault(table@, target_col@) {
            Some(e) => r == Err::<Table, Error>(e),
            None => if lag_clash(table@, num_lags as nat) {
                r == Err::<Table, Error>(Error::DuplicateColumn)
            } else {
                &&& r is Ok
                &&& table@.column(target_col@).cells is Number
                &&& r->Ok_0@ == with_lags(
                    table@,
                    table@.column(target_col@).cells->Number_0,
                    num_lags as nat,
                )
                &&& r->Ok_0@.well_formed()
            },
        },
{
    let target = match table.numbers(target_col) {
        Ok(target) => target,
        Err(e) => {
            return Err(e);
        },
    };
    proof {
        use_type_invariant(table);
    }
    let width = table.width();
    let mut columns: Vec<Column> = Vec::new();
    let mut i: usize = 0;
    while i < width
        invariant
            i <= width,
            width == table@.width(),
            columns@.len() == i,
            forall|j: int| 0 <= j < i ==> columns@[j]@ == table@.columns[j],
        decreases width - i,
    {
        columns.push(table.column_at(i).clone());
        i += 1;
    }
    let mut k: usize = 0;
    while k < num_lags
        invariant
            k <= num_lags,
            width == table@.width(),
            table@.well_formed(),
            columns@.len() == width + k,
            forall|j: int| 0 <= j < width ==> columns@[j]@ == table@.columns[j],
            forall|j: int|
                width <= j < width + k ==> columns@[j]@ == lag_column(target@, j - width + 1),
            !lag_clash(table@, k as nat),
            numeric_fault(table@, target_col@) is None,
            table@.column(target_col@).cells == CellsView::Number(target@),
            target@.len() == table@.height(),
        decreases num_lags - k,
    {
        let name = lag_column_name(k + 1);
        if table.find(name.as_str()).is_some() {
            proof {
                assert(1 <= (k + 1) as nat <= num_lags && table@.has_column(lag_name((k + 1) as nat)));
            }
            return Err(Error::DuplicateColumn);
        }
        let cells = lagged_cells(target, k + 1);
        columns.push(Column { name, cells: Cells::Number(cells) });
        proof {
            assert forall|j: nat| 1 <= j <= k + 1 implies !table@.has_column(
                #[trigger] lag_name(j),
            ) by {
                if j <= k {
                    assert(!lag_clash(table@, k as nat));
                }
            }
        }
        k += 1;
    }
    proof {
        lemma_with_lags_well_formed(table@, target@, num_lags as nat);
        assert(columns_view(columns@) =~= with_lags(table@, target@, num_lags as nat).columns);
    }
    Ok(Table::from_columns(columns))
}

} // verus!
